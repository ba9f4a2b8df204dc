use vstd::prelude::*;

use crate::token::{literal_text, Token, TokenType, TokenView};

verus! {

broadcast use vstd::string::group_string_axioms;

/// An expression as a mathematical tree.
pub enum SExpr {
    Ident(Seq<char>),
    /// The literal text and its value.
    Int(Seq<char>, int),
    Bool(bool),
    /// The operator and the operand.
    Prefix(Seq<char>, Box<SExpr>),
    /// The left operand, the operator and the right operand.
    Infix(Box<SExpr>, Seq<char>, Box<SExpr>),
    /// The condition, the consequence and the alternative.
    If(Box<SExpr>, Seq<SStmt>, Option<Seq<SStmt>>),
    /// The parameter names and the body.
    Func(Seq<Seq<char>>, Seq<SStmt>),
    /// The callee and the arguments.
    Call(Box<SExpr>, Seq<SExpr>),
}

/// A statement as a mathematical tree.
pub enum SStmt {
    Let(Seq<char>, SExpr),
    Return(SExpr),
    /// The statement's first token and its expression.
    Expr(TokenView, SExpr),
    Block(Seq<SStmt>),
}

/// A name.
#[derive(Debug)]
pub struct Identifier {
    pub token: Token,
    pub value: String,
}

/// A decimal integer literal and its value.
#[derive(Debug)]
pub struct IntegerLiteral {
    pub token: Token,
    pub value: i64,
}

/// `true` or `false`.
#[derive(Debug)]
pub struct Boolean {
    pub token: Token,
    pub value: bool,
}

/// A unary operator applied to an operand.
#[derive(Debug)]
pub struct PrefixExpression {
    pub token: Token,
    pub operator: String,
    pub right: Box<Expression>,
}

/// A binary operator applied to two operands.
#[derive(Debug)]
pub struct InfixExpression {
    pub token: Token,
    pub left: Box<Expression>,
    pub operator: String,
    pub right: Box<Expression>,
}

/// `if (condition) { consequence } else { alternative }`, the `else` part optional.
#[derive(Debug)]
pub struct IfExpression {
    pub token: Token,
    pub condition: Box<Expression>,
    pub consequence: BlockStatement,
    pub alternative: Option<BlockStatement>,
}

/// `fn(parameters) { body }`.
#[derive(Debug)]
pub struct FunctionLiteral {
    pub token: Token,
    pub parameters: Vec<Identifier>,
    pub body: BlockStatement,
}

/// `function(arguments)`.
#[derive(Debug)]
pub struct CallExpression {
    pub token: Token,
    pub function: Box<Expression>,
    pub arguments: Vec<Expression>,
}

/// Every kind of expression.
#[derive(Debug)]
pub enum Expression {
    Identifier(Identifier),
    IntegerLiteral(IntegerLiteral),
    Boolean(Boolean),
    Prefix(PrefixExpression),
    Infix(InfixExpression),
    If(IfExpression),
    Function(FunctionLiteral),
    Call(CallExpression),
}

/// `let name = value;`.
#[derive(Debug)]
pub struct LetStatement {
    pub token: Token,
    pub name: Identifier,
    pub value: Expression,
}

/// `return value;`.
#[derive(Debug)]
pub struct ReturnStatement {
    pub token: Token,
    pub return_value: Expression,
}

/// An expression standing as a statement.
#[derive(Debug)]
pub struct ExpressionStatement {
    pub token: Token,
    pub expression: Expression,
}

/// `{ statements }`.
#[derive(Debug)]
pub struct BlockStatement {
    pub token: Token,
    pub statements: Vec<Statement>,
}

/// Every kind of statement.
#[derive(Debug)]
pub enum Statement {
    Let(LetStatement),
    Return(ReturnStatement),
    Expression(ExpressionStatement),
    Block(BlockStatement),
}

/// The root of the tree: the top-level statements in source order.
#[derive(Debug)]
pub struct Program {
    pub statements: Vec<Statement>,
}

/// The tree of an expression.
pub open spec fn expr_view(e: Expression) -> SExpr
    decreases e,
{
    match e {
        Expression::Identifier(i) => SExpr::Ident(i.value@),
        Expression::IntegerLiteral(i) => SExpr::Int(literal_text(i.token@), i.value as int),
        Expression::Boolean(b) => SExpr::Bool(b.value),
        Expression::Prefix(p) => SExpr::Prefix(p.operator@, Box::new(expr_view(*p.right))),
        Expression::Infix(x) => SExpr::Infix(
            Box::new(expr_view(*x.left)),
            x.operator@,
            Box::new(expr_view(*x.right)),
        ),
        Expression::If(x) => SExpr::If(
            Box::new(expr_view(*x.condition)),
            stmts_view(x.consequence.statements@),
            match x.alternative {
                Some(a) => Some(stmts_view(a.statements@)),
                None => None,
            },
        ),
        Expression::Function(f) => SExpr::Func(names_view(f.parameters@), stmts_view(f.body.statements@)),
        Expression::Call(c) => SExpr::Call(Box::new(expr_view(*c.function)), exprs_view(c.arguments@)),
    }
}

/// The trees of a sequence of expressions.
pub open spec fn exprs_view(v: Seq<Expression>) -> Seq<SExpr>
    decreases v,
{
    if v.len() == 0 {
        Seq::empty()
    } else {
        exprs_view(v.drop_last()).push(expr_view(v.last()))
    }
}

/// The names of a sequence of identifiers.
pub open spec fn names_view(v: Seq<Identifier>) -> Seq<Seq<char>> {
    v.map_values(|i: Identifier| i.value@)
}

/// The tree of a statement.
pub open spec fn stmt_view(s: Statement) -> SStmt
    decreases s,
{
    match s {
        Statement::Let(l) => SStmt::Let(l.name.value@, expr_view(l.value)),
        Statement::Return(r) => SStmt::Return(expr_view(r.return_value)),
        Statement::Expression(x) => SStmt::Expr(x.token@, expr_view(x.expression)),
        Statement::Block(b) => SStmt::Block(stmts_view(b.statements@)),
    }
}

/// The trees of a sequence of statements.
pub open spec fn stmts_view(v: Seq<Statement>) -> Seq<SStmt>
    decreases v,
{
    if v.len() == 0 {
        Seq::empty()
    } else {
        stmts_view(v.drop_last()).push(stmt_view(v.last()))
    }
}

} // verus!

verus! {

/// The canonical source text of an expression: operators fully parenthesized.
pub open spec fn expr_src(e: SExpr) -> Seq<char>
    decreases e,
{
    match e {
        SExpr::Ident(n) => n,
        SExpr::Int(text, _) => text,
        SExpr::Bool(b) => if b {
            seq!['t', 'r', 'u', 'e']
        } else {
            seq!['f', 'a', 'l', 's', 'e']
        },
        SExpr::Prefix(op, r) => seq!['('] + op + expr_src(*r) + seq![')'],
        SExpr::Infix(l, op, r) => seq!['('] + expr_src(*l) + seq![' '] + op + seq![' '] + expr_src(*r)
            + seq![')'],
        SExpr::If(c, t, a) => seq!['i', 'f'] + expr_src(*c) + seq![' '] + stmts_src(t) + match a {
            Some(a) => seq!['e', 'l', 's', 'e', ' '] + stmts_src(a),
            None => Seq::empty(),
        },
        SExpr::Func(ps, b) => seq!['f', 'n', '('] + names_src(ps) + seq![')'] + stmts_src(b),
        SExpr::Call(f, args) => expr_src(*f) + seq!['('] + exprs_src(args) + seq![')'],
    }
}

/// Expressions' source texts joined by `,`.
pub open spec fn exprs_src(v: Seq<SExpr>) -> Seq<char>
    decreases v,
{
    if v.len() == 0 {
        Seq::empty()
    } else if v.len() == 1 {
        expr_src(v[0])
    } else {
        exprs_src(v.drop_last()) + seq![','] + expr_src(v.last())
    }
}

/// Names joined by `, `.
pub open spec fn names_src(v: Seq<Seq<char>>) -> Seq<char>
    decreases v.len(),
{
    if v.len() == 0 {
        Seq::empty()
    } else if v.len() == 1 {
        v[0]
    } else {
        names_src(v.drop_last()) + seq![',', ' '] + v.last()
    }
}

/// The canonical source text of a statement.
pub open spec fn stmt_src(s: SStmt) -> Seq<char>
    decreases s,
{
    match s {
        SStmt::Let(n, v) => seq!['l', 'e', 't', ' '] + n + seq![' ', '=', ' '] + expr_src(v) + seq![';'],
        SStmt::Return(v) => seq!['r', 'e', 't', 'u', 'r', 'n', ' '] + expr_src(v) + seq![';'],
        SStmt::Expr(_, v) => expr_src(v),
        SStmt::Block(v) => stmts_src(v),
    }
}

/// Statements' source texts, one after another.
pub open spec fn stmts_src(v: Seq<SStmt>) -> Seq<char>
    decreases v,
{
    if v.len() == 0 {
        Seq::empty()
    } else {
        stmts_src(v.drop_last()) + stmt_src(v.last())
    }
}

/// Appends `s` to `out`.
fn append_text(out: &mut String, s: &str)
    ensures
        final(out)@ == old(out)@ + s@,
{
    out.append(s);
}

impl Identifier {
    /// The literal of the anchoring token.
    pub fn token_literal(&self) -> (r: String)
        ensures
            r@ == literal_text(self.token@),
    {
        self.token.literal()
    }

    /// The name.
    pub fn string(&self) -> (r: String)
        ensures
            r@ == self.value@,
    {
        self.value.clone()
    }
}

impl IntegerLiteral {
    /// The literal of the anchoring token.
    pub fn token_literal(&self) -> (r: String)
        ensures
            r@ == literal_text(self.token@),
    {
        self.token.literal()
    }

    /// The literal text as written.
    pub fn string(&self) -> (r: String)
        ensures
            r@ == expr_src(expr_view(Expression::IntegerLiteral(*self))),
    {
        self.token.literal()
    }
}

impl Boolean {
    /// The literal of the anchoring token.
    pub fn token_literal(&self) -> (r: String)
        ensures
            r@ == literal_text(self.token@),
    {
        self.token.literal()
    }

    /// `true` or `false`.
    pub fn string(&self) -> (r: String)
        ensures
            r@ == expr_src(expr_view(Expression::Boolean(*self))),
    {
        let mut out = String::new();
        if self.value {
            proof {
                reveal_strlit("true");
            }
            append_text(&mut out, "true");
        } else {
            proof {
                reveal_strlit("false");
            }
            append_text(&mut out, "false");
        }
        assert(out@ =~= expr_src(expr_view(Expression::Boolean(*self))));
        out
    }
}

} // verus!

verus! {

impl PrefixExpression {
    /// The literal of the anchoring token.
    pub fn token_literal(&self) -> (r: String)
        ensures
            r@ == literal_text(self.token@),
    {
        self.token.literal()
    }

    /// `(<operator><operand>)`.
    pub fn string(&self) -> (r: String)
        ensures
            r@ == expr_src(expr_view(Expression::Prefix(*self))),
        decreases self,
    {
        let mut out = String::new();
        out.push('(');
        append_text(&mut out, self.operator.as_str());
        let right = self.right.string();
        append_text(&mut out, right.as_str());
        out.push(')');
        assert(out@ =~= expr_src(expr_view(Expression::Prefix(*self))));
        out
    }
}

impl InfixExpression {
    /// The literal of the anchoring token.
    pub fn token_literal(&self) -> (r: String)
        ensures
            r@ == literal_text(self.token@),
    {
        self.token.literal()
    }

    /// `(<left> <operator> <right>)`.
    pub fn string(&self) -> (r: String)
        ensures
            r@ == expr_src(expr_view(Expression::Infix(*self))),
        decreases self,
    {
        let mut out = String::new();
        out.push('(');
        let left = self.left.string();
        append_text(&mut out, left.as_str());
        out.push(' ');
        append_text(&mut out, self.operator.as_str());
        out.push(' ');
        let right = self.right.string();
        append_text(&mut out, right.as_str());
        out.push(')');
        assert(out@ =~= expr_src(expr_view(Expression::Infix(*self))));
        out
    }
}

impl IfExpression {
    /// The literal of the anchoring token.
    pub fn token_literal(&self) -> (r: String)
        ensures
            r@ == literal_text(self.token@),
    {
        self.token.literal()
    }

    /// `if<condition> <consequence>`, then `else <alternative>` when there is one.
    pub fn string(&self) -> (r: String)
        ensures
            r@ == expr_src(expr_view(Expression::If(*self))),
        decreases self,
    {
        let mut out = String::new();
        proof {
            reveal_strlit("if");
            reveal_strlit("else ");
        }
        append_text(&mut out, "if");
        let condition = self.condition.string();
        append_text(&mut out, condition.as_str());
        out.push(' ');
        let consequence = self.consequence.string();
        append_text(&mut out, consequence.as_str());
        match &self.alternative {
            Some(a) => {
                append_text(&mut out, "else ");
                let alternative = a.string();
                append_text(&mut out, alternative.as_str());
            },
            None => {},
        }
        assert(out@ =~= expr_src(expr_view(Expression::If(*self))));
        out
    }
}

impl FunctionLiteral {
    /// The literal of the anchoring token.
    pub fn token_literal(&self) -> (r: String)
        ensures
            r@ == literal_text(self.token@),
    {
        self.token.literal()
    }

    /// `fn(<param1>, <param2>, ...)<body>`.
    pub fn string(&self) -> (r: String)
        ensures
            r@ == expr_src(expr_view(Expression::Function(*self))),
        decreases self,
    {
        let mut out = String::new();
        proof {
            reveal_strlit("fn(");
        }
        append_text(&mut out, "fn(");
        let ghost start = out@;
        let ghost names = names_view(self.parameters@);
        let mut i: usize = 0;
        while i < self.parameters.len()
            invariant
                i <= self.parameters.len(),
                names == names_view(self.parameters@),
                out@ == start + names_src(names.take(i as int)),
            decreases self.parameters.len() - i,
        {
            if i > 0 {
                proof {
                    reveal_strlit(", ");
                }
                append_text(&mut out, ", ");
            }
            append_text(&mut out, self.parameters[i].value.as_str());

            proof {
                let t = names.take(i + 1);
                assert(t.drop_last() =~= names.take(i as int));
                assert(t.last() == self.parameters@[i as int].value@);
                if i == 0 {
                    assert(names_src(t) == t[0]);
                } else {
                    assert(names_src(t) == names_src(t.drop_last()) + seq![',', ' '] + t.last());
                }
                assert(out@ =~= start + names_src(t));
            }
            i = i + 1;
        }
        assert(names.take(i as int) =~= names);
        out.push(')');
        let body = self.body.string();
        append_text(&mut out, body.as_str());
        assert(out@ =~= expr_src(expr_view(Expression::Function(*self))));
        out
    }
}

impl CallExpression {
    /// The literal of the anchoring token.
    pub fn token_literal(&self) -> (r: String)
        ensures
            r@ == literal_text(self.token@),
    {
        self.token.literal()
    }

    /// `<callee>(<arg1>,<arg2>,...)`.
    pub fn string(&self) -> (r: String)
        ensures
            r@ == expr_src(expr_view(Expression::Call(*self))),
        decreases self,
    {
        let function = self.function.string();
        let mut out = function;
        out.push('(');
        let ghost start = out@;
        let mut i: usize = 0;
        while i < self.arguments.len()
            invariant
                i <= self.arguments.len(),
                out@ == start + exprs_src(exprs_view(self.arguments@.take(i as int))),
            decreases self.arguments.len() - i,
        {
            if i > 0 {
                out.push(',');
            }
            let arg = self.arguments[i].string();
            append_text(&mut out, arg.as_str());
            proof {
                let t = self.arguments@.take(i + 1);
                assert(t.drop_last() =~= self.arguments@.take(i as int));
                assert(exprs_view(t).drop_last() == exprs_view(self.arguments@.take(i as int)));
            }
            i = i + 1;
        }
        assert(self.arguments@.take(i as int) =~= self.arguments@);
        out.push(')');
        assert(out@ =~= expr_src(expr_view(Expression::Call(*self))));
        out
    }
}

} // verus!

verus! {

impl Expression {
    /// The literal of the token that anchors the expression.
    pub fn token_literal(&self) -> (r: String)
        ensures
            r@ == literal_text(expr_token(*self)@),
    {
        match self {
            Expression::Identifier(x) => x.token_literal(),
            Expression::IntegerLiteral(x) => x.token_literal(),
            Expression::Boolean(x) => x.token_literal(),
            Expression::Prefix(x) => x.token_literal(),
            Expression::Infix(x) => x.token_literal(),
            Expression::If(x) => x.token_literal(),
            Expression::Function(x) => x.token_literal(),
            Expression::Call(x) => x.token_literal(),
        }
    }

    /// The canonical source text of the expression.
    pub fn string(&self) -> (r: String)
        ensures
            r@ == expr_src(expr_view(*self)),
        decreases self,
    {
        match self {
            Expression::Identifier(x) => x.string(),
            Expression::IntegerLiteral(x) => x.string(),
            Expression::Boolean(x) => x.string(),
            Expression::Prefix(x) => x.string(),
            Expression::Infix(x) => x.string(),
            Expression::If(x) => x.string(),
            Expression::Function(x) => x.string(),
            Expression::Call(x) => x.string(),
        }
    }
}

/// The token that anchors an expression.
pub open spec fn expr_token(e: Expression) -> Token {
    match e {
        Expression::Identifier(x) => x.token,
        Expression::IntegerLiteral(x) => x.token,
        Expression::Boolean(x) => x.token,
        Expression::Prefix(x) => x.token,
        Expression::Infix(x) => x.token,
        Expression::If(x) => x.token,
        Expression::Function(x) => x.token,
        Expression::Call(x) => x.token,
    }
}

/// The token that anchors a statement.
pub open spec fn stmt_token(s: Statement) -> Token {
    match s {
        Statement::Let(x) => x.token,
        Statement::Return(x) => x.token,
        Statement::Expression(x) => x.token,
        Statement::Block(x) => x.token,
    }
}

impl LetStatement {
    /// The literal of the anchoring token.
    pub fn token_literal(&self) -> (r: String)
        ensures
            r@ == literal_text(self.token@),
    {
        self.token.literal()
    }

    /// `let <name> = <value>;`.
    pub fn string(&self) -> (r: String)
        ensures
            r@ == stmt_src(stmt_view(Statement::Let(*self))),
        decreases self,
    {
        let mut out = String::new();
        proof {
            reveal_strlit("let ");
            reveal_strlit(" = ");
        }
        append_text(&mut out, "let ");
        append_text(&mut out, self.name.value.as_str());
        append_text(&mut out, " = ");
        let value = self.value.string();
        append_text(&mut out, value.as_str());
        out.push(';');
        assert(out@ =~= stmt_src(stmt_view(Statement::Let(*self))));
        out
    }
}

impl ReturnStatement {
    /// The literal of the anchoring token.
    pub fn token_literal(&self) -> (r: String)
        ensures
            r@ == literal_text(self.token@),
    {
        self.token.literal()
    }

    /// `return <value>;`.
    pub fn string(&self) -> (r: String)
        ensures
            r@ == stmt_src(stmt_view(Statement::Return(*self))),
        decreases self,
    {
        let mut out = String::new();
        proof {
            reveal_strlit("return ");
        }
        append_text(&mut out, "return ");
        let value = self.return_value.string();
        append_text(&mut out, value.as_str());
        out.push(';');
        assert(out@ =~= stmt_src(stmt_view(Statement::Return(*self))));
        out
    }
}

impl ExpressionStatement {
    /// The literal of the anchoring token.
    pub fn token_literal(&self) -> (r: String)
        ensures
            r@ == literal_text(self.token@),
    {
        self.token.literal()
    }

    /// The source text of the expression.
    pub fn string(&self) -> (r: String)
        ensures
            r@ == stmt_src(stmt_view(Statement::Expression(*self))),
        decreases self,
    {
        self.expression.string()
    }
}

impl BlockStatement {
    /// The literal of the anchoring token.
    pub fn token_literal(&self) -> (r: String)
        ensures
            r@ == literal_text(self.token@),
    {
        self.token.literal()
    }

    /// The statements' source texts, one after another.
    pub fn string(&self) -> (r: String)
        ensures
            r@ == stmts_src(stmts_view(self.statements@)),
        decreases self,
    {
        let mut out = String::new();
        let mut i: usize = 0;
        while i < self.statements.len()
            invariant
                i <= self.statements.len(),
                out@ == stmts_src(stmts_view(self.statements@.take(i as int))),
            decreases self.statements.len() - i,
        {
            let s = self.statements[i].string();
            append_text(&mut out, s.as_str());
            proof {
                let t = self.statements@.take(i + 1);
                assert(t.drop_last() =~= self.statements@.take(i as int));
                let sv = stmts_view(t);
                assert(sv.drop_last() =~= stmts_view(self.statements@.take(i as int)));
            }
            i = i + 1;
        }
        assert(self.statements@.take(i as int) =~= self.statements@);
        out
    }
}

impl Statement {
    /// The literal of the token that anchors the statement.
    pub fn token_literal(&self) -> (r: String)
        ensures
            r@ == literal_text(stmt_token(*self)@),
    {
        match self {
            Statement::Let(x) => x.token_literal(),
            Statement::Return(x) => x.token_literal(),
            Statement::Expression(x) => x.token_literal(),
            Statement::Block(x) => x.token_literal(),
        }
    }

    /// The canonical source text of the statement.
    pub fn string(&self) -> (r: String)
        ensures
            r@ == stmt_src(stmt_view(*self)),
        decreases self,
    {
        match self {
            Statement::Let(x) => x.string(),
            Statement::Return(x) => x.string(),
            Statement::Expression(x) => x.string(),
            Statement::Block(x) => x.string(),
        }
    }
}

impl Program {
    /// The literal of the first statement's anchoring token, or the empty string.
    pub fn token_literal(&self) -> (r: String)
        ensures
            self.statements@.len() > 0 ==> r@ == literal_text(stmt_token(self.statements@[0])@),
            self.statements@.len() == 0 ==> r@ == Seq::<char>::empty(),
    {
        if self.statements.len() > 0 {
            self.statements[0].token_literal()
        } else {
            String::new()
        }
    }

    /// The source texts of the top-level statements, one after another.
    pub fn string(&self) -> (r: String)
        ensures
            r@ == stmts_src(stmts_view(self.statements@)),
    {
        let mut out = String::new();
        let mut i: usize = 0;
        while i < self.statements.len()
            invariant
                i <= self.statements.len(),
                out@ == stmts_src(stmts_view(self.statements@.take(i as int))),
            decreases self.statements.len() - i,
        {
            let s = self.statements[i].string();
            append_text(&mut out, s.as_str());
            proof {
                let t = self.statements@.take(i + 1);
                assert(t.drop_last() =~= self.statements@.take(i as int));
                let sv = stmts_view(t);
                assert(sv.drop_last() =~= stmts_view(self.statements@.take(i as int)));
            }
            i = i + 1;
        }
        assert(self.statements@.take(i as int) =~= self.statements@);
        out
    }
}

} // verus!

verus! {

/// Every node of an expression holds its anchoring token: a name or literal its
/// own token, an operator node its operator, a call its `(`, `if` and `fn` their
/// keyword, a block its `{`.
pub open spec fn anchored_expr(e: Expression) -> bool
    decreases e,
{
    match e {
        Expression::Identifier(i) => anchored_ident(i),
        Expression::IntegerLiteral(i) => i.token@.0 == TokenType::Int && i.token@.1 is Some,
        Expression::Boolean(b) => b.token@ == if b.value {
            (TokenType::True, Some(seq!['t', 'r', 'u', 'e']))
        } else {
            (TokenType::False, Some(seq!['f', 'a', 'l', 's', 'e']))
        },
        Expression::Prefix(p) => (p.token@.0 == TokenType::Bang || p.token@.0 == TokenType::Minus)
            && p.token@.1 == Some(p.operator@) && anchored_expr(*p.right),
        Expression::Infix(x) => x.token@.1 == Some(x.operator@) && anchored_expr(*x.left)
            && anchored_expr(*x.right),
        Expression::If(x) => x.token@ == (TokenType::If, Some(seq!['i', 'f'])) && anchored_expr(
            *x.condition,
        ) && anchored_block(x.consequence) && match x.alternative {
            Some(a) => anchored_block(a),
            None => true,
        },
        Expression::Function(f) => f.token@ == (TokenType::Function, Some(seq!['f', 'n']))
            && (forall|i: int| 0 <= i < f.parameters@.len() ==> anchored_ident(#[trigger] f.parameters@[i]))
            && anchored_block(f.body),
        Expression::Call(x) => x.token@ == (TokenType::Lparen, Some(seq!['('])) && anchored_expr(
            *x.function,
        ) && anchored_exprs(x.arguments@),
    }
}

/// A name holds its own token.
pub open spec fn anchored_ident(i: Identifier) -> bool {
    i.token@ == (TokenType::Ident, Some(i.value@))
}

/// Every expression of the sequence is anchored.
pub open spec fn anchored_exprs(v: Seq<Expression>) -> bool
    decreases v,
{
    if v.len() == 0 {
        true
    } else {
        anchored_exprs(v.drop_last()) && anchored_expr(v.last())
    }
}

/// A block holds its `{`, and its statements are anchored.
pub open spec fn anchored_block(b: BlockStatement) -> bool
    decreases b,
{
    b.token@ == (TokenType::Lbrace, Some(seq!['{'])) && anchored_stmts(b.statements@)
}

/// Every node of a statement holds its anchoring token: `let` and `return` their
/// keyword, the name of a `let` its own token (an expression statement's first
/// token is part of its view).
pub open spec fn anchored_stmt(s: Statement) -> bool
    decreases s,
{
    match s {
        Statement::Let(l) => l.token@ == (TokenType::Let, Some(seq!['l', 'e', 't'])) && anchored_ident(
            l.name,
        ) && anchored_expr(l.value),
        Statement::Return(r) => r.token@ == (TokenType::Return, Some(seq!['r', 'e', 't', 'u', 'r', 'n']))
            && anchored_expr(r.return_value),
        Statement::Expression(x) => anchored_expr(x.expression),
        Statement::Block(b) => anchored_block(b),
    }
}

/// Every statement of the sequence is anchored.
pub open spec fn anchored_stmts(v: Seq<Statement>) -> bool
    decreases v,
{
    if v.len() == 0 {
        true
    } else {
        anchored_stmts(v.drop_last()) && anchored_stmt(v.last())
    }
}

} // verus!
