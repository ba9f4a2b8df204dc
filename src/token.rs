use vstd::prelude::*;

verus! {

/// The lexical categories of the language.
#[derive(Debug, Clone, Copy, PartialEq, Eq, Structural)]
pub enum TokenType {
    Illegal,
    Eof,
    Ident,
    Int,
    Assign,
    Plus,
    Minus,
    Bang,
    Asterisk,
    Slash,
    Eq,
    NotEq,
    Lt,
    Gt,
    Comma,
    Semicolon,
    Lparen,
    Rparen,
    Lbrace,
    Rbrace,
    Function,
    Let,
    True,
    False,
    If,
    Else,
    Return,
}

/// The literal text carried by a token.
#[derive(Debug)]
pub enum Value {
    Str(String),
}

impl View for Value {
    type V = Seq<char>;

    open spec fn view(&self) -> Seq<char> {
        match self {
            Value::Str(s) => s@,
        }
    }
}

impl PartialEq for Value {
    fn eq(&self, other: &Value) -> (r: bool) {
        match (self, other) {
            (Value::Str(s), Value::Str(o)) => *s == *o,
        }
    }
}

impl vstd::std_specs::cmp::PartialEqSpecImpl for Value {
    open spec fn obeys_eq_spec() -> bool {
        true
    }

    open spec fn eq_spec(&self, other: &Value) -> bool {
        self@ == other@
    }
}

} // verus!

verus! {

/// A token as a mathematical value: its kind and its literal text, if any.
pub type TokenView = (TokenType, Option<Seq<char>>);

/// One lexical unit: its kind and the source text it was read from.
#[derive(Debug)]
pub struct Token {
    pub token_type: TokenType,
    pub value: Option<Value>,
}

impl View for Token {
    type V = TokenView;

    open spec fn view(&self) -> TokenView {
        (
            self.token_type,
            match self.value {
                Some(v) => Some(v@),
                None => None,
            },
        )
    }
}

impl Token {
    /// The literal text of the token, or the empty string for a token without one.
    pub fn literal(&self) -> (r: String)
        ensures
            r@ == literal_text(self@),
    {
        match &self.value {
            Some(Value::Str(s)) => s.clone(),
            None => String::new(),
        }
    }

    /// A copy of the token.
    pub fn duplicate(&self) -> (r: Token)
        ensures
            r@ == self@,
    {
        Token {
            token_type: self.token_type,
            value: match &self.value {
                Some(Value::Str(s)) => Some(Value::Str(s.clone())),
                None => None,
            },
        }
    }
}

/// The literal text of a token view, empty when it carries none.
pub open spec fn literal_text(t: TokenView) -> Seq<char> {
    match t.1 {
        Some(s) => s,
        None => Seq::empty(),
    }
}

} // verus!

verus! {

/// The name of a token kind, as error messages show it.
pub open spec fn kind_name(t: TokenType) -> Seq<char> {
    match t {
        TokenType::Illegal => seq!['I', 'L', 'L', 'E', 'G', 'A', 'L'],
        TokenType::Eof => seq!['E', 'O', 'F'],
        TokenType::Ident => seq!['I', 'D', 'E', 'N', 'T'],
        TokenType::Int => seq!['I', 'N', 'T'],
        TokenType::Assign => seq!['='],
        TokenType::Plus => seq!['+'],
        TokenType::Minus => seq!['-'],
        TokenType::Bang => seq!['!'],
        TokenType::Asterisk => seq!['*'],
        TokenType::Slash => seq!['/'],
        TokenType::Eq => seq!['=', '='],
        TokenType::NotEq => seq!['!', '='],
        TokenType::Lt => seq!['<'],
        TokenType::Gt => seq!['>'],
        TokenType::Comma => seq![','],
        TokenType::Semicolon => seq![';'],
        TokenType::Lparen => seq!['('],
        TokenType::Rparen => seq![')'],
        TokenType::Lbrace => seq!['{'],
        TokenType::Rbrace => seq!['}'],
        TokenType::Function => seq!['F', 'U', 'N', 'C', 'T', 'I', 'O', 'N'],
        TokenType::Let => seq!['L', 'E', 'T'],
        TokenType::True => seq!['T', 'R', 'U', 'E'],
        TokenType::False => seq!['F', 'A', 'L', 'S', 'E'],
        TokenType::If => seq!['I', 'F'],
        TokenType::Else => seq!['E', 'L', 'S', 'E'],
        TokenType::Return => seq!['R', 'E', 'T', 'U', 'R', 'N'],
    }
}

impl TokenType {
    /// The name of the kind, as error messages show it.
    pub fn name(&self) -> (r: String)
        ensures
            r@ == kind_name(*self),
    {
        let s: &str = match self {
            TokenType::Illegal => "ILLEGAL",
            TokenType::Eof => "EOF",
            TokenType::Ident => "IDENT",
            TokenType::Int => "INT",
            TokenType::Assign => "=",
            TokenType::Plus => "+",
            TokenType::Minus => "-",
            TokenType::Bang => "!",
            TokenType::Asterisk => "*",
            TokenType::Slash => "/",
            TokenType::Eq => "==",
            TokenType::NotEq => "!=",
            TokenType::Lt => "<",
            TokenType::Gt => ">",
            TokenType::Comma => ",",
            TokenType::Semicolon => ";",
            TokenType::Lparen => "(",
            TokenType::Rparen => ")",
            TokenType::Lbrace => "{",
            TokenType::Rbrace => "}",
            TokenType::Function => "FUNCTION",
            TokenType::Let => "LET",
            TokenType::True => "TRUE",
            TokenType::False => "FALSE",
            TokenType::If => "IF",
            TokenType::Else => "ELSE",
            TokenType::Return => "RETURN",
        };
        proof {
            reveal_strlit("ILLEGAL");
            reveal_strlit("EOF");
            reveal_strlit("IDENT");
            reveal_strlit("INT");
            reveal_strlit("=");
            reveal_strlit("+");
            reveal_strlit("-");
            reveal_strlit("!");
            reveal_strlit("*");
            reveal_strlit("/");
            reveal_strlit("==");
            reveal_strlit("!=");
            reveal_strlit("<");
            reveal_strlit(">");
            reveal_strlit(",");
            reveal_strlit(";");
            reveal_strlit("(");
            reveal_strlit(")");
            reveal_strlit("{");
            reveal_strlit("}");
            reveal_strlit("FUNCTION");
            reveal_strlit("LET");
            reveal_strlit("TRUE");
            reveal_strlit("FALSE");
            reveal_strlit("IF");
            reveal_strlit("ELSE");
            reveal_strlit("RETURN");
        }
        String::from_str(s)
    }
}

} // verus!
