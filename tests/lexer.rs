use monkey::{is_digit, is_letter, Lexer, TokenType, Value};

fn lit(s: &str) -> Option<Value> {
    Some(Value::Str(String::from(s)))
}

#[test]
fn peek_char() {
    let input = String::from("!=");
    let l = &Lexer::new(input);
    assert_eq!('=', l.peek_char());
    assert_eq!('=', l.peek_char());
}

#[test]
fn test_is_digit() {
    assert_eq!(is_digit('0'), true);
    assert_eq!(is_digit('1'), true);
    assert_eq!(is_digit('8'), true);
    assert_eq!(is_digit('9'), true);
}

#[test]
fn test_is_letter() {
    assert_eq!(is_letter('_'), true);
    assert_eq!(is_letter('a'), true);
    assert_eq!(is_letter('b'), true);
    assert_eq!(is_letter('y'), true);
    assert_eq!(is_letter('z'), true);
    assert_eq!(is_letter('A'), true);
    assert_eq!(is_letter('B'), true);
    assert_eq!(is_letter('Y'), true);
    assert_eq!(is_letter('Z'), true);
}

#[test]
fn next_token() {
    let input = String::from("let five = 5;
let ten = 10;

let add = fn(x, y) {
    x + y;
};

let result = add(five, ten);
!-/*5;
5 < 10 > 5;

if (5 < 10) {
    return true;
} else {
    return false;
}

10 == 10;
10 != 9;");
    let tests = vec![
        (TokenType::Let, lit("let")),
        (TokenType::Ident, lit("five")),
        (TokenType::Assign, lit("=")),
        (TokenType::Int, lit("5")),
        (TokenType::Semicolon, lit(";")),
        (TokenType::Let, lit("let")),
        (TokenType::Ident, lit("ten")),
        (TokenType::Assign, lit("=")),
        (TokenType::Int, lit("10")),
        (TokenType::Semicolon, lit(";")),
        (TokenType::Let, lit("let")),
        (TokenType::Ident, lit("add")),
        (TokenType::Assign, lit("=")),
        (TokenType::Function, lit("fn")),
        (TokenType::Lparen, lit("(")),
        (TokenType::Ident, lit("x")),
        (TokenType::Comma, lit(",")),
        (TokenType::Ident, lit("y")),
        (TokenType::Rparen, lit(")")),
        (TokenType::Lbrace, lit("{")),
        (TokenType::Ident, lit("x")),
        (TokenType::Plus, lit("+")),
        (TokenType::Ident, lit("y")),
        (TokenType::Semicolon, lit(";")),
        (TokenType::Rbrace, lit("}")),
        (TokenType::Semicolon, lit(";")),
        (TokenType::Let, lit("let")),
        (TokenType::Ident, lit("result")),
        (TokenType::Assign, lit("=")),
        (TokenType::Ident, lit("add")),
        (TokenType::Lparen, lit("(")),
        (TokenType::Ident, lit("five")),
        (TokenType::Comma, lit(",")),
        (TokenType::Ident, lit("ten")),
        (TokenType::Rparen, lit(")")),
        (TokenType::Semicolon, lit(";")),
        (TokenType::Bang, lit("!")),
        (TokenType::Minus, lit("-")),
        (TokenType::Slash, lit("/")),
        (TokenType::Asterisk, lit("*")),
        (TokenType::Int, lit("5")),
        (TokenType::Semicolon, lit(";")),
        (TokenType::Int, lit("5")),
        (TokenType::Lt, lit("<")),
        (TokenType::Int, lit("10")),
        (TokenType::Gt, lit(">")),
        (TokenType::Int, lit("5")),
        (TokenType::Semicolon, lit(";")),
        (TokenType::If, lit("if")),
        (TokenType::Lparen, lit("(")),
        (TokenType::Int, lit("5")),
        (TokenType::Lt, lit("<")),
        (TokenType::Int, lit("10")),
        (TokenType::Rparen, lit(")")),
        (TokenType::Lbrace, lit("{")),
        (TokenType::Return, lit("return")),
        (TokenType::True, lit("true")),
        (TokenType::Semicolon, lit(";")),
        (TokenType::Rbrace, lit("}")),
        (TokenType::Else, lit("else")),
        (TokenType::Lbrace, lit("{")),
        (TokenType::Return, lit("return")),
        (TokenType::False, lit("false")),
        (TokenType::Semicolon, lit(";")),
        (TokenType::Rbrace, lit("}")),
        (TokenType::Int, lit("10")),
        (TokenType::Eq, lit("==")),
        (TokenType::Int, lit("10")),
        (TokenType::Semicolon, lit(";")),
        (TokenType::Int, lit("10")),
        (TokenType::NotEq, lit("!=")),
        (TokenType::Int, lit("9")),
        (TokenType::Semicolon, lit(";")),
        (TokenType::Eof, None),
    ];

    let l = &mut Lexer::new(input);
    for e in &tests {
        let t = l.next_token();
        assert_eq!(t.token_type, e.0);
        assert_eq!(t.value, e.1);
    }
}

fn kinds_of(input: &str) -> Vec<(TokenType, Option<Value>)> {
    let mut l = Lexer::new(String::from(input));
    let mut out = Vec::new();
    loop {
        let t = l.next_token();
        let done = t.token_type == TokenType::Eof;
        out.push((t.token_type, t.value));
        if done {
            break;
        }
    }
    out
}

#[test]
fn single_operators_lex_alone() {
    let cases = vec![
        ('=', TokenType::Assign),
        ('+', TokenType::Plus),
        ('-', TokenType::Minus),
        ('!', TokenType::Bang),
        ('*', TokenType::Asterisk),
        ('/', TokenType::Slash),
        ('<', TokenType::Lt),
        ('>', TokenType::Gt),
        (';', TokenType::Semicolon),
        ('(', TokenType::Lparen),
        (')', TokenType::Rparen),
        ('{', TokenType::Lbrace),
        ('}', TokenType::Rbrace),
        (',', TokenType::Comma),
    ];
    for (c, k) in cases {
        let s = c.to_string();
        let toks = kinds_of(&s);
        assert_eq!(toks, vec![(k, lit(&s)), (TokenType::Eof, None)]);
    }
}

#[test]
fn two_character_operators() {
    assert_eq!(kinds_of("=="), vec![(TokenType::Eq, lit("==")), (TokenType::Eof, None)]);
    assert_eq!(kinds_of("!="), vec![(TokenType::NotEq, lit("!=")), (TokenType::Eof, None)]);
}

#[test]
fn let_statement_tokens() {
    assert_eq!(
        kinds_of("let five = 5;"),
        vec![
            (TokenType::Let, lit("let")),
            (TokenType::Ident, lit("five")),
            (TokenType::Assign, lit("=")),
            (TokenType::Int, lit("5")),
            (TokenType::Semicolon, lit(";")),
            (TokenType::Eof, None),
        ]
    );
}

#[test]
fn eof_is_sticky() {
    let mut l = Lexer::new(String::from("x"));
    assert_eq!(l.next_token().token_type, TokenType::Ident);
    for _ in 0..5 {
        let t = l.next_token();
        assert_eq!(t.token_type, TokenType::Eof);
        assert_eq!(t.value, None);
    }
}

#[test]
fn empty_and_blank_input() {
    assert_eq!(kinds_of(""), vec![(TokenType::Eof, None)]);
    assert_eq!(kinds_of(" \t\r\n "), vec![(TokenType::Eof, None)]);
}

#[test]
fn maximal_munch_words() {
    assert_eq!(
        kinds_of("letter fnx _a1"),
        vec![
            (TokenType::Ident, lit("letter")),
            (TokenType::Ident, lit("fnx")),
            (TokenType::Ident, lit("_a")),
            (TokenType::Int, lit("1")),
            (TokenType::Eof, None),
        ]
    );
}

#[test]
fn keywords() {
    assert_eq!(
        kinds_of("fn let true false if else return"),
        vec![
            (TokenType::Function, lit("fn")),
            (TokenType::Let, lit("let")),
            (TokenType::True, lit("true")),
            (TokenType::False, lit("false")),
            (TokenType::If, lit("if")),
            (TokenType::Else, lit("else")),
            (TokenType::Return, lit("return")),
            (TokenType::Eof, None),
        ]
    );
}

#[test]
fn illegal_characters_carry_their_text() {
    assert_eq!(
        kinds_of("a @ 1"),
        vec![
            (TokenType::Ident, lit("a")),
            (TokenType::Illegal, lit("@")),
            (TokenType::Int, lit("1")),
            (TokenType::Eof, None),
        ]
    );
    assert_eq!(kinds_of("\0"), vec![(TokenType::Illegal, lit("\0")), (TokenType::Eof, None)]);
}

#[test]
fn lexer_reads_words_and_numbers() {
    let mut l = Lexer::new(String::from("abc_d 123x"));
    assert_eq!(l.read_identifier(), "abc_d");
    l.skip_white_space();
    assert_eq!(l.read_number(), "123");
    assert_eq!(l.read_identifier(), "x");
    assert_eq!(l.lookup_ident("return"), TokenType::Return);
    assert_eq!(l.lookup_ident("returns"), TokenType::Ident);
}

#[test]
fn non_digits_and_non_letters() {
    assert!(!is_digit('a'));
    assert!(!is_digit('/'));
    assert!(!is_letter('1'));
    assert!(!is_letter('-'));
}
